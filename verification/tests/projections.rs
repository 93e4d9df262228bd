use cical::{parse_decimal, 
    calculate_compound_interest, calculate_compound_interest_with_contributions,
    calculate_principal_for_target, calculate_time_to_target, calculate_weekly_with_yearly_tax,
    CompoundInterestParams, Decimal,
};

fn dec(text: &str) -> Decimal {
    parse_decimal(text).unwrap()
}

fn value(d: Decimal) -> f64 {
    d.raw().unwrap() as f64 / 1e18
}

#[test]
fn test_basic_compound_interest() {
    let params = CompoundInterestParams {
        principal: dec("1000.0"),
        annual_rate: dec("0.05"),
        compounds_per_year: 1,
        years: dec("10.0"),
    };

    let result = calculate_compound_interest(&params);

    // A = 1000 * (1 + 0.05)^10 = 1000 * 1.6289 = 1628.89
    assert!((value(result.final_amount) - 1628.89).abs() < 0.01);
    assert!((value(result.total_interest) - 628.89).abs() < 0.01);
}

#[test]
fn test_monthly_compounding() {
    let params = CompoundInterestParams {
        principal: dec("1000.0"),
        annual_rate: dec("0.05"),
        compounds_per_year: 12,
        years: dec("1.0"),
    };

    let result = calculate_compound_interest(&params);

    // Monthly compounding gives slightly more than annual compounding.
    assert!(value(result.final_amount) > 1050.0);
}

#[test]
fn test_compound_interest_with_contributions() {
    let params = CompoundInterestParams {
        principal: dec("1000.0"),
        annual_rate: dec("0.05"),
        compounds_per_year: 12,
        years: dec("10.0"),
    };

    let result = calculate_compound_interest_with_contributions(&params, dec("100.0"));

    let result_no_contributions = calculate_compound_interest(&params);
    assert!(value(result.final_amount) > value(result_no_contributions.final_amount));
}

#[test]
fn test_time_to_target() {
    let years = calculate_time_to_target(dec("1000.0"), dec("2000.0"), dec("0.05"), 1);

    // About 14.2 years to double at 5% a year.
    assert!((value(years) - 14.2).abs() < 0.5);
}

#[test]
fn test_principal_for_target() {
    let principal = calculate_principal_for_target(dec("2000.0"), dec("0.05"), 1, dec("10.0"));

    assert!((value(principal) - 1227.83).abs() < 1.0);
}

#[test]
fn test_weekly_with_tax() {
    let principal = dec("10000.0");
    let weekly_rate = dec("0.01");
    let weeks = 52 * 2;
    let weekly_contribution = dec("100.0");
    let capital_gains_tax = dec("0.3");

    let (final_after_tax, _profit, tax_paid) = calculate_weekly_with_yearly_tax(
        principal,
        weekly_rate,
        weeks,
        weekly_contribution,
        capital_gains_tax,
    );

    let (final_no_tax, _profit_no_tax, _) = calculate_weekly_with_yearly_tax(
        principal,
        weekly_rate,
        weeks,
        weekly_contribution,
        dec("0.0"),
    );
    assert!(value(final_after_tax) < value(final_no_tax));
    assert!(value(tax_paid) > 0.0);
    assert!(value(final_after_tax) < value(final_no_tax));
    let total_contributions = value(weekly_contribution) * weeks as f64;
    assert!(value(final_after_tax) > value(principal) + total_contributions);
}

#[test]
fn growth_matches_the_closed_formula() {
    let params = CompoundInterestParams {
        principal: dec("1000"),
        annual_rate: dec("0.05"),
        compounds_per_year: 1,
        years: dec("10"),
    };
    let result = calculate_compound_interest(&params);
    // 1.05^10 = 1.62889462677744140625, kept to eighteen places, times 1000.
    assert_eq!(result.final_amount.raw(), Some(1_628_894_626_777_441_406_000));
    assert_eq!(result.total_interest.raw(), Some(628_894_626_777_441_406_000));
    assert_eq!(result.principal.raw(), Some(1000 * 1_000_000_000_000_000_000));
    assert_eq!(result.effective_annual_rate.raw(), Some(50_000_000_000_000_000));
}

#[test]
fn fractional_horizon_matches_floating_point() {
    let params = CompoundInterestParams {
        principal: dec("2500"),
        annual_rate: dec("0.07"),
        compounds_per_year: 4,
        years: dec("3.3"),
    };
    let result = calculate_compound_interest(&params);
    let expected = 2500.0 * (1.0f64 + 0.07 / 4.0).powf(4.0 * 3.3);
    assert!((value(result.final_amount) - expected).abs() < 1e-9);
    let ear = (1.0f64 + 0.07 / 4.0).powf(4.0) - 1.0;
    assert!((value(result.effective_annual_rate) - ear).abs() < 1e-15);
}

#[test]
fn zero_frequency_leaves_the_principal() {
    // The rate per period is not a number, and its power zero is one.
    let params = CompoundInterestParams {
        principal: dec("1000"),
        annual_rate: dec("0.05"),
        compounds_per_year: 0,
        years: dec("10"),
    };
    let result = calculate_compound_interest(&params);
    assert_eq!(result.final_amount.raw(), params.principal.raw());
    assert_eq!(result.total_interest.raw(), Some(0));
    assert_eq!(result.effective_annual_rate.raw(), Some(0));
}

#[test]
fn contributions_follow_the_annuity_formula() {
    let params = CompoundInterestParams {
        principal: dec("1000"),
        annual_rate: dec("0.06"),
        compounds_per_year: 12,
        years: dec("10"),
    };
    let result = calculate_compound_interest_with_contributions(&params, dec("100"));
    let grown = 1000.0 * (1.0f64 + 0.06 / 12.0).powf(120.0);
    let annuity = 100.0 * ((1.0f64 + 0.005).powf(120.0) - 1.0) / 0.005;
    assert!((value(result.final_amount) - (grown + annuity)).abs() < 1e-9);
    assert!((value(result.total_interest) - (grown + annuity - 1000.0 - 12000.0)).abs() < 1e-9);
}

#[test]
fn contributions_at_zero_rate_are_a_plain_sum() {
    let params = CompoundInterestParams {
        principal: dec("1000"),
        annual_rate: dec("0"),
        compounds_per_year: 12,
        years: dec("2.5"),
    };
    let result = calculate_compound_interest_with_contributions(&params, dec("40"));
    assert_eq!(result.final_amount.raw(), dec("2200").raw());
    assert_eq!(result.total_interest.raw(), Some(0));
    assert_eq!(result.effective_annual_rate.raw(), Some(0));
}

#[test]
fn contributions_compound_monthly_whatever_the_frequency() {
    let yearly = CompoundInterestParams {
        principal: dec("0"),
        annual_rate: dec("0.06"),
        compounds_per_year: 1,
        years: dec("3"),
    };
    let daily = CompoundInterestParams { compounds_per_year: 365, ..yearly };
    let a = calculate_compound_interest_with_contributions(&yearly, dec("50"));
    let b = calculate_compound_interest_with_contributions(&daily, dec("50"));
    assert_eq!(a.final_amount.raw(), b.final_amount.raw());
    let annuity = 50.0 * ((1.0f64 + 0.005).powf(36.0) - 1.0) / 0.005;
    assert!((value(a.final_amount) - annuity).abs() < 1e-9);
}

#[test]
fn more_frequent_compounding_grows_faster() {
    let mut amounts = Vec::new();
    let mut rates = Vec::new();
    for n in [1u32, 12, 365] {
        let params = CompoundInterestParams {
            principal: dec("1000"),
            annual_rate: dec("0.05"),
            compounds_per_year: n,
            years: dec("10"),
        };
        let result = calculate_compound_interest(&params);
        amounts.push(result.final_amount.raw().unwrap());
        rates.push(result.effective_annual_rate.raw().unwrap());
    }
    assert!(amounts[0] < amounts[1] && amounts[1] < amounts[2]);
    assert!(rates[0] < rates[1] && rates[1] < rates[2]);
}

#[test]
fn time_to_target_is_zero_when_unreachable() {
    assert_eq!(calculate_time_to_target(dec("1000"), dec("2000"), dec("0"), 1).raw(), Some(0));
    assert_eq!(calculate_time_to_target(dec("1000"), dec("2000"), dec("-0.01"), 1).raw(), Some(0));
    assert_eq!(calculate_time_to_target(dec("0"), dec("2000"), dec("0.05"), 1).raw(), Some(0));
    assert_eq!(calculate_time_to_target(dec("-5"), dec("2000"), dec("0.05"), 1).raw(), Some(0));
    assert_eq!(calculate_time_to_target(dec("1000"), dec("1000"), dec("0.05"), 1).raw(), Some(0));
    assert_eq!(calculate_time_to_target(dec("1000"), dec("999"), dec("0.05"), 1).raw(), Some(0));
}

#[test]
fn time_to_target_matches_the_logarithm_formula() {
    let years = calculate_time_to_target(dec("1000"), dec("2000"), dec("0.05"), 1);
    let expected = 2.0f64.ln() / 1.05f64.ln();
    assert!((value(years) - expected).abs() < 1e-12);
    let years = calculate_time_to_target(dec("1500"), dec("10000"), dec("0.04"), 12);
    let expected = (10000.0f64 / 1500.0).ln() / (12.0 * (1.0f64 + 0.04 / 12.0).ln());
    assert!((value(years) - expected).abs() < 1e-11);
}

#[test]
fn time_to_target_with_a_vanishing_rate_is_not_a_number() {
    // The rate per period rounds to zero, so the logarithm in the divisor is zero.
    let tiny = Decimal::from_raw(1);
    assert_eq!(calculate_time_to_target(dec("1000"), dec("2000"), tiny, 12).raw(), None);
}

#[test]
fn principal_for_target_is_zero_when_infeasible() {
    assert_eq!(calculate_principal_for_target(dec("2000"), dec("0"), 1, dec("10")).raw(), Some(0));
    assert_eq!(calculate_principal_for_target(dec("2000"), dec("-0.05"), 1, dec("10")).raw(), Some(0));
    assert_eq!(calculate_principal_for_target(dec("2000"), dec("0.05"), 1, dec("0")).raw(), Some(0));
    assert_eq!(calculate_principal_for_target(dec("2000"), dec("0.05"), 1, dec("-1")).raw(), Some(0));
}

#[test]
fn principal_for_target_round_trips() {
    for (target, rate, n, years) in [
        ("2000", "0.05", 1u32, "10"),
        ("1000000", "0.07", 12, "30"),
        ("150.25", "0.031", 365, "2.75"),
    ] {
        let principal = calculate_principal_for_target(dec(target), dec(rate), n, dec(years));
        let params = CompoundInterestParams {
            principal,
            annual_rate: dec(rate),
            compounds_per_year: n,
            years: dec(years),
        };
        let back = value(calculate_compound_interest(&params).final_amount);
        let wanted = value(dec(target));
        assert!((back - wanted).abs() <= 0.01 * wanted);
        assert!(back <= wanted);
        assert!(wanted - back < 1e-15 * wanted.max(1.0));
    }
}

#[test]
fn principal_for_target_matches_the_closed_formula() {
    let principal = calculate_principal_for_target(dec("2000"), dec("0.05"), 1, dec("10"));
    // 2000 / 1.628894626777441406 = 1227.826507081518748905..
    assert_eq!(principal.raw(), Some(1_227_826_507_081_518_748_905));
}

#[test]
fn growth_lies_between_simple_and_exact_compound_interest() {
    // 2500 at 8% a year, compounded quarterly for one year: four periods at 2%.
    let params = CompoundInterestParams {
        principal: dec("2500"),
        annual_rate: dec("0.08"),
        compounds_per_year: 4,
        years: dec("1"),
    };
    let got = calculate_compound_interest(&params).final_amount.raw().unwrap();
    // Simple interest: 2500 * (1 + 4 * 0.02) = 2700.
    assert!(got >= dec("2700").raw().unwrap());
    // Exact compound value: 2500 * 1.02^4 = 2706.0804.
    assert!(got <= dec("2706.0804").raw().unwrap());
    assert_eq!(got, dec("2706.0804").raw().unwrap());
}

#[test]
fn compounding_once_a_year_has_the_nominal_rate() {
    for rate in ["0", "0.05", "0.123456789012345678", "3"] {
        let params = CompoundInterestParams {
            principal: dec("1"),
            annual_rate: dec(rate),
            compounds_per_year: 1,
            years: dec("1"),
        };
        let result = calculate_compound_interest(&params);
        assert_eq!(result.effective_annual_rate.raw(), dec(rate).raw());
    }
}

#[test]
fn compounding_within_the_year_beats_the_nominal_rate() {
    for n in [2u32, 4, 12, 52, 365] {
        let params = CompoundInterestParams {
            principal: dec("1"),
            annual_rate: dec("0.05"),
            compounds_per_year: n,
            years: dec("1"),
        };
        let result = calculate_compound_interest(&params);
        assert!(result.effective_annual_rate.raw().unwrap() > dec("0.05").raw().unwrap());
    }
}

#[test]
fn time_to_target_is_no_shorter_than_continuous_compounding() {
    for n in [1u32, 4, 12, 365] {
        let years = calculate_time_to_target(dec("1000"), dec("2000"), dec("0.05"), n);
        let continuous = dec("2").ln().div(dec("0.05"));
        assert!(years.raw().unwrap() >= continuous.raw().unwrap());
        assert!(value(years) < 14.21);
    }
}
