use cical::Decimal;

const SCALE: i128 = 1_000_000_000_000_000_000;

#[test]
fn product_of_whole_numbers() {
    let c = Decimal::from_int(3).mul(Decimal::from_int(2));
    assert_eq!(c.raw(), Some(6 * SCALE));
}

#[test]
fn product_rounds_toward_zero() {
    let third = Decimal::from_int(1).div(Decimal::from_int(3));
    assert_eq!(third.raw(), Some(333_333_333_333_333_333));
    let neg_third = Decimal::from_int(-1).div(Decimal::from_int(3));
    assert_eq!(neg_third.raw(), Some(-333_333_333_333_333_333));
    let ninth = third.mul(third);
    assert_eq!(ninth.raw(), Some(111_111_111_111_111_110));
    assert_eq!(neg_third.mul(third).raw(), Some(-111_111_111_111_111_110));
}

#[test]
fn division_by_zero_is_not_a_number() {
    assert_eq!(Decimal::from_int(1).div(Decimal::zero()).raw(), None);
    assert!(!Decimal::from_int(1).div(Decimal::zero()).is_finite());
}

#[test]
fn out_of_range_results_are_not_numbers() {
    let big = Decimal::from_raw(1_000_000_000_000_000_000_000_000_000_000_000_000);
    assert!(big.is_finite());
    assert_eq!(big.add(Decimal::from_raw(1)).raw(), None);
    assert_eq!(big.mul(Decimal::from_int(2)).raw(), None);
    assert_eq!(big.mul(Decimal::one()).raw(), big.raw());
    assert_eq!(big.div(Decimal::from_raw(SCALE / 2)).raw(), None);
    assert_eq!(big.div(Decimal::from_int(2)).raw(), Some(500_000_000_000_000_000_000_000_000_000_000_000));
    assert_eq!(Decimal::from_int(i64::MAX).raw(), None);
}
