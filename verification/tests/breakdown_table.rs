use cical::{calculate_compound_interest, generate_breakdown, CompoundInterestParams, Decimal};

fn params(years_raw: i128) -> CompoundInterestParams {
    CompoundInterestParams {
        principal: Decimal::from_int(1000),
        annual_rate: Decimal::from_raw(50_000_000_000_000_000),
        compounds_per_year: 4,
        years: Decimal::from_raw(years_raw),
    }
}

const ONE: i128 = 1_000_000_000_000_000_000;

#[test]
fn five_years_give_keys_one_to_five() {
    let table = generate_breakdown(&params(5 * ONE));
    let mut keys: Vec<u32> = table.keys().copied().collect();
    keys.sort();
    assert_eq!(keys, vec![1, 2, 3, 4, 5]);
}

#[test]
fn each_entry_is_the_projection_for_that_year() {
    let base = params(5 * ONE);
    let table = generate_breakdown(&base);
    for year in 1..=5u32 {
        let single = calculate_compound_interest(&CompoundInterestParams {
            years: Decimal::from_u32(year),
            ..base
        });
        let entry = table.get(&year).unwrap();
        assert_eq!(entry.final_amount, single.final_amount);
        assert_eq!(entry.total_interest, single.total_interest);
        assert_eq!(entry.principal, single.principal);
        assert_eq!(entry.effective_annual_rate, single.effective_annual_rate);
    }
    // 1000 * 1.0125^4, the factor kept to eighteen places.
    assert_eq!(table[&1].final_amount.raw(), Some(1_050_945_336_914_062_500_000));
    assert_eq!(table[&5].final_amount.raw(), Some(1_282_037_231_708_585_437_000));
}

#[test]
fn a_closing_fraction_of_a_year_has_no_entry() {
    let table = generate_breakdown(&params(3 * ONE + 999_999_999_999_999_999));
    let mut keys: Vec<u32> = table.keys().copied().collect();
    keys.sort();
    assert_eq!(keys, vec![1, 2, 3]);
}

#[test]
fn short_negative_or_unknown_horizons_give_an_empty_table() {
    assert!(generate_breakdown(&params(0)).is_empty());
    assert!(generate_breakdown(&params(ONE - 1)).is_empty());
    assert!(generate_breakdown(&params(-3 * ONE)).is_empty());
    let mut unknown = params(0);
    unknown.years = Decimal::nan();
    assert!(generate_breakdown(&unknown).is_empty());
}

#[test]
fn whole_part_saturates() {
    assert_eq!(Decimal::from_raw(7 * ONE + 5).whole_u32(), 7);
    assert_eq!(Decimal::from_raw(-1).whole_u32(), 0);
    assert_eq!(Decimal::nan().whole_u32(), 0);
    assert_eq!(Decimal::from_raw(4_294_967_295 * ONE).whole_u32(), u32::MAX);
    assert_eq!(Decimal::from_raw(4_294_967_296 * ONE).whole_u32(), u32::MAX);
}
