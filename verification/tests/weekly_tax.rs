use cical::{parse_decimal, calculate_weekly_with_yearly_tax, Decimal};

fn dec(text: &str) -> Decimal {
    parse_decimal(text).unwrap()
}

fn value(d: Decimal) -> f64 {
    d.raw().unwrap() as f64 / 1e18
}

/// One segment in floating point: the balance after tax and the tax.
fn segment(balance: f64, rate: f64, contribution: f64, tax_rate: f64, periods: f64, share: f64) -> (f64, f64) {
    let factor = (1.0 + rate).powf(periods);
    let annuity = if rate > 0.0 {
        contribution * (factor - 1.0) / rate
    } else {
        contribution * periods
    };
    let gross = balance * factor + annuity;
    let profit = gross - balance - contribution * periods;
    let tax = if profit > 0.0 { profit * tax_rate * share } else { 0.0 };
    (gross - tax, tax)
}

#[test]
fn no_weeks_leaves_the_principal() {
    let (balance, profit, tax) =
        calculate_weekly_with_yearly_tax(dec("10000"), dec("0.01"), 0, dec("100"), dec("0.3"));
    assert_eq!(balance.raw(), dec("10000").raw());
    assert_eq!(profit.raw(), Some(0));
    assert_eq!(tax.raw(), Some(0));
}

#[test]
fn fifty_two_weeks_are_one_full_segment() {
    let (balance, profit, tax) =
        calculate_weekly_with_yearly_tax(dec("10000"), dec("0.01"), 52, dec("100"), dec("0.3"));
    let (expected_balance, expected_tax) = segment(10000.0, 0.01, 100.0, 0.3, 52.0, 1.0);
    assert!((value(balance) - expected_balance).abs() < 1e-9);
    assert!((value(tax) - expected_tax).abs() < 1e-9);
    assert!((value(profit) - (expected_balance + expected_tax - 10000.0 - 5200.0)).abs() < 1e-9);
    // 1.01^52 = 1.677688921462943919..; the gain 8353.77842925887838 is taxed in full.
    assert_eq!(balance.raw(), Some(21_047_644_900_481_214_866_000));
    assert_eq!(profit.raw(), Some(8_353_778_429_258_878_380_000));
    assert_eq!(tax.raw(), Some(2_506_133_528_777_663_514_000));
}

#[test]
fn fifty_three_weeks_add_one_prorated_week() {
    let (balance, profit, tax) =
        calculate_weekly_with_yearly_tax(dec("10000"), dec("0.01"), 53, dec("100"), dec("0.3"));
    let (after_year, year_tax) = segment(10000.0, 0.01, 100.0, 0.3, 52.0, 1.0);
    let (expected_balance, week_tax) = segment(after_year, 0.01, 100.0, 0.3, 1.0, 1.0 / 52.0);
    assert!((value(balance) - expected_balance).abs() < 1e-9);
    assert!((value(tax) - (year_tax + week_tax)).abs() < 1e-9);
    assert!((value(profit) - (expected_balance + year_tax + week_tax - 10000.0 - 5300.0)).abs() < 1e-9);
    // The week's gain is one per cent of the carried balance; its tax is 0.3 / 52 of that.
    let week_gain = after_year * 0.01;
    assert!((week_tax - week_gain * 0.3 / 52.0).abs() < 1e-9);
    assert_eq!(tax.raw(), Some(2_507_347_815_983_460_507_116));
}

#[test]
fn fifty_one_weeks_are_one_prorated_segment() {
    let (balance, _profit, tax) =
        calculate_weekly_with_yearly_tax(dec("10000"), dec("0.01"), 51, dec("100"), dec("0.3"));
    let (expected_balance, expected_tax) = segment(10000.0, 0.01, 100.0, 0.3, 51.0, 51.0 / 52.0);
    assert!((value(balance) - expected_balance).abs() < 1e-9);
    assert!((value(tax) - expected_tax).abs() < 1e-9);
}

#[test]
fn three_years_carry_the_balance_after_tax() {
    let (balance, profit, tax) =
        calculate_weekly_with_yearly_tax(dec("13500"), dec("0.02"), 156, dec("100"), dec("0.37"));
    let mut carried = 13500.0;
    let mut paid = 0.0;
    for _ in 0..3 {
        let (next, year_tax) = segment(carried, 0.02, 100.0, 0.37, 52.0, 1.0);
        carried = next;
        paid += year_tax;
    }
    assert!((value(balance) - carried).abs() < 1e-7);
    assert!((value(tax) - paid).abs() < 1e-7);
    assert!((value(profit) - (carried + paid - 13500.0 - 15600.0)).abs() < 1e-7);
}

#[test]
fn zero_tax_rate_is_pure_compounding() {
    for weeks in [0u32, 1, 51, 52, 53, 104, 130] {
        let (balance, profit, tax) =
            calculate_weekly_with_yearly_tax(dec("10000"), dec("0.01"), weeks, dec("100"), dec("0"));
        assert_eq!(tax.raw(), Some(0));
        // The same segments without any tax, by hand.
        let one = Decimal::one();
        let rate = dec("0.01");
        let mut carried = dec("10000");
        let mut spans = vec![52u32; (weeks / 52) as usize];
        if weeks % 52 > 0 {
            spans.push(weeks % 52);
        }
        for span in spans {
            let factor = one.add(rate).pow(Decimal::from_u32(span));
            let annuity = dec("100").mul(factor.sub(one)).div(rate);
            carried = carried.mul(factor).add(annuity);
        }
        assert_eq!(balance.raw(), carried.raw());
        let paid_in = dec("100").mul(Decimal::from_u32(weeks));
        assert_eq!(profit.raw(), carried.sub(dec("10000")).sub(paid_in).raw());
    }
}

#[test]
fn tax_is_a_drag_on_the_balance() {
    let (taxed, _, tax) =
        calculate_weekly_with_yearly_tax(dec("10000"), dec("0.01"), 104, dec("100"), dec("0.3"));
    let (untaxed, _, _) =
        calculate_weekly_with_yearly_tax(dec("10000"), dec("0.01"), 104, dec("100"), dec("0"));
    let (taxed, untaxed, tax) = (taxed.raw().unwrap(), untaxed.raw().unwrap(), tax.raw().unwrap());
    assert!(tax > 0);
    assert!(taxed + tax <= untaxed);
    assert!(taxed < untaxed);
    assert!(taxed > (10000 + 104 * 100) * 1_000_000_000_000_000_000);
}

#[test]
fn zero_rate_yields_a_flat_sum() {
    let (balance, profit, tax) =
        calculate_weekly_with_yearly_tax(dec("10000"), dec("0"), 104, dec("100"), dec("0.3"));
    assert_eq!(balance.raw(), dec("20400").raw());
    assert_eq!(profit.raw(), Some(0));
    assert_eq!(tax.raw(), Some(0));
}

#[test]
fn losses_are_never_taxed() {
    let (balance, profit, tax) =
        calculate_weekly_with_yearly_tax(dec("5000"), dec("-0.01"), 52, dec("0"), dec("0.3"));
    assert_eq!(tax.raw(), Some(0));
    let expected = 5000.0 * 0.99f64.powf(52.0);
    assert!((value(balance) - expected).abs() < 1e-9);
    assert!(value(profit) < 0.0);
    assert!((value(profit) - (expected - 5000.0)).abs() < 1e-9);
}

#[test]
fn dust_contributions_can_fall_below_what_was_paid_in() {
    // A contribution of one unit of 10^-18 is lost to rounding in the annuity.
    let dust = Decimal::from_raw(1);
    let (balance, profit, tax) =
        calculate_weekly_with_yearly_tax(Decimal::zero(), dec("0.01"), 52, dust, dec("0.3"));
    assert_eq!(balance.raw(), Some(0));
    assert_eq!(profit.raw(), Some(-52));
    assert_eq!(tax.raw(), Some(0));
}

#[test]
fn not_a_number_spreads_to_the_balance() {
    let (balance, profit, tax) =
        calculate_weekly_with_yearly_tax(Decimal::nan(), dec("0.01"), 52, dec("100"), dec("0.3"));
    assert_eq!(balance.raw(), None);
    assert_eq!(profit.raw(), None);
    assert_eq!(tax.raw(), Some(0));
}
