//! Year-by-year table of a projection.

use crate::decimal::{num_int, num_whole_u32, Decimal};
use crate::interest::{
    calculate_compound_interest, growth_projection, CompoundInterestParams,
    CompoundInterestResult, Scenario,
};
use std::collections::HashMap;
use vstd::prelude::*;
use vstd::std_specs::hash::*;

verus! {

/// The scenario `s` with its horizon replaced by `year` whole years.
pub open spec fn at_year(s: Scenario, year: nat) -> Scenario {
    Scenario {
        principal: s.principal,
        annual_rate: s.annual_rate,
        compounds_per_year: s.compounds_per_year,
        years: num_int(year as int),
    }
}

/// Tabulates the projection for every whole year of the horizon. The table
/// has one entry for each year from one up to the whole part of
/// `params.years`, and none for year zero or a closing fraction of a year.
/// The entry for a year is the projection of the same parameters over exactly
/// that many years.
pub fn generate_breakdown(params: &CompoundInterestParams) -> (table: HashMap<
    u32,
    CompoundInterestResult,
>)
    ensures
        forall|year: u32|
            table@.contains_key(year) <==> 1 <= year <= num_whole_u32(params@.years),
        forall|year: u32|
            1 <= year <= num_whole_u32(params@.years) ==> (#[trigger] table@[year])@
                == growth_projection(at_year(params@, year as nat)),
{
    broadcast use group_hash_axioms;

    let last: u32 = params.years.whole_u32();
    let mut table: HashMap<u32, CompoundInterestResult> = HashMap::new();
    let mut year: u32 = 0;
    while year < last
        invariant
            year <= last,
            forall|k: u32| table@.contains_key(k) <==> 1 <= k <= year,
            forall|k: u32|
                1 <= k <= year ==> (#[trigger] table@[k])@ == growth_projection(
                    at_year(params@, k as nat),
                ),
        decreases last - year,
    {
        year = year + 1;
        let year_params = CompoundInterestParams {
            principal: params.principal,
            annual_rate: params.annual_rate,
            compounds_per_year: params.compounds_per_year,
            years: Decimal::from_u32(year),
        };
        let entry = calculate_compound_interest(&year_params);
        table.insert(year, entry);
    }
    table
}

} // verus!
