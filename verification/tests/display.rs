use cical::{parse_decimal, format_currency, format_percentage, Decimal};

fn dec(text: &str) -> Decimal {
    parse_decimal(text).unwrap()
}

#[test]
fn currency_has_a_dollar_sign_and_two_places() {
    assert_eq!(format_currency(dec("1628.894626777441406")), "$1628.89");
    assert_eq!(format_currency(dec("1000")), "$1000.00");
    assert_eq!(format_currency(dec("0")), "$0.00");
    assert_eq!(format_currency(dec("0.5")), "$0.50");
    assert_eq!(format_currency(dec("12345678901234.567")), "$12345678901234.57");
    assert_eq!(format_currency(dec("0.07")), "$0.07");
}

#[test]
fn currency_rounds_to_the_nearest_cent() {
    assert_eq!(format_currency(dec("2.994999999999999999")), "$2.99");
    assert_eq!(format_currency(dec("2.995000000000000001")), "$3.00");
    assert_eq!(format_currency(dec("0.999")), "$1.00");
    assert_eq!(format_currency(dec("99.996")), "$100.00");
    // A tie goes to the even cent.
    assert_eq!(format_currency(dec("0.125")), "$0.12");
    assert_eq!(format_currency(dec("0.135")), "$0.14");
    assert_eq!(format_currency(dec("0.005")), "$0.00");
    assert_eq!(format_currency(dec("0.015")), "$0.02");
}

#[test]
fn currency_keeps_the_sign() {
    assert_eq!(format_currency(dec("-12.345")), "$-12.34");
    assert_eq!(format_currency(dec("-0.001")), "$-0.00");
    assert_eq!(format_currency(dec("-2035.167767992501665")), "$-2035.17");
}

#[test]
fn currency_of_not_a_number() {
    assert_eq!(format_currency(Decimal::nan()), "$NaN");
}

#[test]
fn currency_agrees_with_floating_point_display() {
    for x in [1628.89f64, 0.1, 7.777, 150.257, 1e6, 3.14159, 42.0] {
        let d = Decimal::from_raw((x * 1e6).round() as i128 * 1_000_000_000_000);
        let shown = (x * 1e6).round() / 1e6;
        assert_eq!(format_currency(d), format!("${:.2}", shown));
    }
}

#[test]
fn percentage_is_a_hundredfold_with_two_places() {
    assert_eq!(format_percentage(dec("0.05")), "5.00%");
    assert_eq!(format_percentage(dec("0.0509453369140625")), "5.09%");
    assert_eq!(format_percentage(dec("1")), "100.00%");
    assert_eq!(format_percentage(dec("0")), "0.00%");
    assert_eq!(format_percentage(dec("-0.0125")), "-1.25%");
    assert_eq!(format_percentage(dec("0.37")), "37.00%");
    assert_eq!(format_percentage(dec("0.000049")), "0.00%");
    assert_eq!(format_percentage(dec("0.000051")), "0.01%");
}

#[test]
fn percentage_out_of_range_is_not_a_number() {
    let big = Decimal::from_raw(1_000_000_000_000_000_000_000_000_000_000_000_000);
    assert_eq!(format_percentage(big), "NaN%");
    assert_eq!(format_percentage(Decimal::nan()), "NaN%");
}
