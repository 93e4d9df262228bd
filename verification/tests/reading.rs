use cical::{format_decimal, parse_decimal, Decimal};

const ONE: i128 = 1_000_000_000_000_000_000;

fn raw(text: &str) -> Option<Option<i128>> {
    parse_decimal(text).map(|d| d.raw())
}

#[test]
fn reads_whole_numbers_and_decimal_places() {
    assert_eq!(raw("0"), Some(Some(0)));
    assert_eq!(raw("1000"), Some(Some(1000 * ONE)));
    assert_eq!(raw("0.05"), Some(Some(50_000_000_000_000_000)));
    assert_eq!(raw("1628.89"), Some(Some(1_628_890_000_000_000_000_000)));
    assert_eq!(raw("007.5"), Some(Some(7_500_000_000_000_000_000)));
    assert_eq!(raw("0.000000000000000001"), Some(Some(1)));
    assert_eq!(raw("5."), Some(Some(5 * ONE)));
    assert_eq!(raw(".5"), Some(Some(ONE / 2)));
}

#[test]
fn reads_signs() {
    assert_eq!(raw("-12.5"), Some(Some(-12_500_000_000_000_000_000)));
    assert_eq!(raw("+12.5"), Some(Some(12_500_000_000_000_000_000)));
    assert_eq!(raw("-0"), Some(Some(0)));
    assert_eq!(raw("-.25"), Some(Some(-ONE / 4)));
}

#[test]
fn drops_places_after_the_eighteenth() {
    assert_eq!(raw("0.1234567890123456789"), Some(Some(123_456_789_012_345_678)));
    assert_eq!(raw("0.9999999999999999999999"), Some(Some(999_999_999_999_999_999)));
    assert_eq!(raw("-1.0000000000000000009"), Some(Some(-ONE)));
}

#[test]
fn refuses_what_is_no_number() {
    for text in ["", "-", "+", ".", "-.", "abc", "1e3", "1.2.3", "1,5", " 1", "1 ", "--1", "+-1", "1-", "0x10", "١٢"] {
        assert_eq!(raw(text), None, "{:?}", text);
    }
}

#[test]
fn reads_out_of_range_numbers_as_not_a_number() {
    assert_eq!(raw("1000000000000000000"), Some(Some(ONE * ONE)));
    assert_eq!(raw("-1000000000000000000"), Some(Some(-ONE * ONE)));
    assert_eq!(raw("1000000000000000000.000000000000000000"), Some(Some(ONE * ONE)));
    assert_eq!(raw("1000000000000000000.000000000000000001"), Some(None));
    assert_eq!(raw("1000000000000000001"), Some(None));
    assert_eq!(raw("-1000000000000000001"), Some(None));
    assert_eq!(raw("99999999999999999999999999999999999999999999999999"), Some(None));
    assert_eq!(raw("99999999999999999999999999999999999999999999999999.5"), Some(None));
}

#[test]
fn shows_a_chosen_number_of_places() {
    let x = parse_decimal("14.206699082890474130").unwrap();
    assert_eq!(format_decimal(x, 0), "14");
    assert_eq!(format_decimal(x, 1), "14.2");
    assert_eq!(format_decimal(x, 2), "14.21");
    assert_eq!(format_decimal(x, 6), "14.206699");
    assert_eq!(format_decimal(x, 18), "14.206699082890474130");
    assert_eq!(format_decimal(x, 40), "14.206699082890474130");
    let y = parse_decimal("-0.0049").unwrap();
    assert_eq!(format_decimal(y, 2), "-0.00");
    assert_eq!(format_decimal(y, 3), "-0.005");
    assert_eq!(format_decimal(parse_decimal("170.48").unwrap(), 0), "170");
    assert_eq!(format_decimal(parse_decimal("2.5").unwrap(), 0), "2");
    assert_eq!(format_decimal(parse_decimal("3.5").unwrap(), 0), "4");
    assert_eq!(format_decimal(parse_decimal("1.005").unwrap(), 1), "1.0");
    assert_eq!(format_decimal(Decimal::nan(), 1), "NaN");
}

#[test]
fn text_round_trips_at_full_precision() {
    for text in ["0.000000000000000001", "123.456000000000000000", "-7.000000000000000000", "999999999999999999.999999999999999999"] {
        assert_eq!(format_decimal(parse_decimal(text).unwrap(), 18), text);
    }
}
