use cical::Decimal;

fn value(d: Decimal) -> f64 {
    d.raw().expect("finite") as f64 / 1e18
}

fn dec(x: f64) -> Decimal {
    Decimal::from_raw((x * 1e18).round() as i128)
}

fn close(a: f64, b: f64, rel: f64) -> bool {
    (a - b).abs() <= rel * b.abs().max(1e-12)
}

#[test]
fn logarithm_matches_known_values() {
    assert_eq!(Decimal::one().ln().raw(), Some(0));
    for x in [2.0f64, 0.5, 10.0, 1.05, 1.0 + 0.05 / 365.0, 1e-9, 123456789.0, 3e17, 0.999999] {
        let got = value(dec(x).ln());
        assert!((got - x.ln()).abs() < 1e-15 * x.ln().abs().max(1.0), "ln({}) = {} vs {}", x, got, x.ln());
    }
    assert_eq!(Decimal::zero().ln().raw(), None);
    assert_eq!(Decimal::from_int(-1).ln().raw(), None);
    assert_eq!(Decimal::nan().ln().raw(), None);
}

#[test]
fn exponential_matches_known_values() {
    assert_eq!(Decimal::zero().exp().raw(), Some(1_000_000_000_000_000_000));
    for y in [1.0f64, -1.0, 0.5, 0.693, 2.5, -7.25, 10.0, 30.0, 41.0, -41.0, 1e-9, -1e-9] {
        let got = value(dec(y).exp());
        assert!(close(got, y.exp(), 1e-14) || (got - y.exp()).abs() < 1e-17, "exp({}) = {} vs {}", y, got, y.exp());
    }
    assert_eq!(dec(-100.0).exp().raw(), Some(0));
    assert_eq!(dec(42.0).exp().raw(), None);
    assert_eq!(Decimal::nan().exp().raw(), None);
}

#[test]
fn whole_powers_are_repeated_products() {
    assert_eq!(Decimal::from_int(2).powi(10).raw(), Some(1024 * 1_000_000_000_000_000_000));
    assert_eq!(Decimal::from_int(-3).powi(3).raw(), Some(-27 * 1_000_000_000_000_000_000));
    assert_eq!(Decimal::from_int(7).powi(0).raw(), Some(1_000_000_000_000_000_000));
    assert_eq!(Decimal::nan().powi(0).raw(), Some(1_000_000_000_000_000_000));
    assert_eq!(Decimal::nan().powi(1).raw(), None);
    let got = value(dec(1.05).powi(10));
    assert!(close(got, 1.05f64.powi(10), 1e-15));
    let got = value(dec(1.0 + 0.05 / 365.0).powi(3650));
    assert!(close(got, (1.0f64 + 0.05 / 365.0).powi(3650), 1e-12), "{}", got);
    assert_eq!(Decimal::from_int(10).powi(19).raw(), None);
}

#[test]
fn real_powers_match_known_values() {
    for (b, x) in [(1.05f64, 10.0f64), (1.05, 0.5), (1.05, 10.5), (2.0, 0.25), (0.97, 3.7), (1.0041666, 127.3), (1.05, -2.0), (1.05, -2.5)] {
        let got = value(dec(b).pow(dec(x)));
        assert!(close(got, b.powf(x), 1e-13), "{}^{} = {} vs {}", b, x, got, b.powf(x));
    }
    assert_eq!(Decimal::zero().pow(dec(0.5)).raw(), Some(0));
    assert_eq!(Decimal::zero().pow(Decimal::zero()).raw(), Some(1_000_000_000_000_000_000));
    assert_eq!(Decimal::from_int(-2).pow(dec(0.5)).raw(), None);
    assert_eq!(Decimal::from_int(-2).pow(Decimal::from_int(3)).raw(), Some(-8 * 1_000_000_000_000_000_000));
    assert_eq!(Decimal::from_int(2).pow(Decimal::nan()).raw(), None);
}

#[test]
fn exponential_lies_above_its_tangent() {
    for y in [0.0f64, 1e-18, 0.3, 0.693147180559945309, 1.0, 5.5, 40.0] {
        let d = dec(y);
        let got = d.exp().raw().unwrap();
        assert!(got >= 1_000_000_000_000_000_000 + d.raw().unwrap(), "{}", y);
    }
}

#[test]
fn logarithm_lies_below_its_tangent() {
    for x in [1.0f64, 1.000000001, 1.05, 2.0, 3.999, 1e6, 9e17] {
        let d = dec(x);
        let got = d.ln().raw().unwrap();
        assert!(got >= 0 && got <= d.raw().unwrap() - 1_000_000_000_000_000_000, "{}", x);
    }
}
