//! Projections of a lump sum under compound interest, with and without
//! monthly contributions, and the two inverse questions: how long until a
//! target is reached, and what principal reaches it in a given time.

use crate::decimal::{num_add, num_div, num_int, num_le, num_mul, num_sub, Decimal, SCALE};
use crate::explog::{num_ln, num_pow};
use crate::formulas::{
    annuity_future_value, annuity_value, compound_future_value, compound_value,
};
use vstd::prelude::*;

verus! {

/// Months in a year: contributions are paid and compounded monthly.
pub const MONTHS_PER_YEAR: u32 = 12;

/// What a projection starts from.
#[derive(Debug, Clone, Copy)]
pub struct CompoundInterestParams {
    /// Starting capital.
    pub principal: Decimal,
    /// Annual interest rate as a fraction: 0.05 for five per cent.
    pub annual_rate: Decimal,
    /// How many times a year interest is added to the balance.
    pub compounds_per_year: u32,
    /// Horizon in years.
    pub years: Decimal,
}

/// What a projection arrives at.
#[derive(Debug, Clone, Copy)]
pub struct CompoundInterestResult {
    /// Balance at the horizon.
    pub final_amount: Decimal,
    /// Balance at the horizon less everything paid in.
    pub total_interest: Decimal,
    /// The starting capital, as given.
    pub principal: Decimal,
    /// The rate that, compounded once a year, grows as fast.
    pub effective_annual_rate: Decimal,
}

/// The parameters as decimals of the model.
pub struct Scenario {
    pub principal: Option<int>,
    pub annual_rate: Option<int>,
    pub compounds_per_year: nat,
    pub years: Option<int>,
}

/// A result as decimals of the model.
pub struct Projection {
    pub final_amount: Option<int>,
    pub total_interest: Option<int>,
    pub principal: Option<int>,
    pub effective_annual_rate: Option<int>,
}

impl View for CompoundInterestParams {
    type V = Scenario;

    open spec fn view(&self) -> Scenario {
        Scenario {
            principal: self.principal@,
            annual_rate: self.annual_rate@,
            compounds_per_year: self.compounds_per_year as nat,
            years: self.years@,
        }
    }
}

impl View for CompoundInterestResult {
    type V = Projection;

    open spec fn view(&self) -> Projection {
        Projection {
            final_amount: self.final_amount@,
            total_interest: self.total_interest@,
            principal: self.principal@,
            effective_annual_rate: self.effective_annual_rate@,
        }
    }
}

/// Rate per compounding period: `annual_rate / compounds_per_year`.
pub open spec fn period_rate(annual_rate: Option<int>, compounds_per_year: nat) -> Option<int> {
    num_div(annual_rate, num_int(compounds_per_year as int))
}

/// Number of compounding periods: `compounds_per_year * years`.
pub open spec fn period_count(compounds_per_year: nat, years: Option<int>) -> Option<int> {
    num_mul(num_int(compounds_per_year as int), years)
}

/// `principal * (1 + r/n)^(n t)`.
pub open spec fn grown_principal(s: Scenario) -> Option<int> {
    compound_value(
        s.principal,
        period_rate(s.annual_rate, s.compounds_per_year),
        period_count(s.compounds_per_year, s.years),
    )
}

/// `(1 + r/n)^n - 1`.
pub open spec fn effective_annual_rate(annual_rate: Option<int>, compounds_per_year: nat) -> Option<
    int,
> {
    num_sub(
        num_pow(
            num_add(Some(SCALE as int), period_rate(annual_rate, compounds_per_year)),
            num_int(compounds_per_year as int),
        ),
        Some(SCALE as int),
    )
}

/// The projection without contributions.
pub open spec fn growth_projection(s: Scenario) -> Projection {
    Projection {
        final_amount: grown_principal(s),
        total_interest: num_sub(grown_principal(s), s.principal),
        principal: s.principal,
        effective_annual_rate: effective_annual_rate(s.annual_rate, s.compounds_per_year),
    }
}

/// Future value of the monthly contributions: an annuity at `annual_rate / 12`
/// per month over `years * 12` months, whatever the compounding frequency.
pub open spec fn grown_contributions(s: Scenario, monthly_contribution: Option<int>) -> Option<int> {
    annuity_value(
        monthly_contribution,
        num_div(s.annual_rate, num_int(MONTHS_PER_YEAR as int)),
        num_mul(s.years, num_int(MONTHS_PER_YEAR as int)),
    )
}

/// The projection with a contribution at the end of every month.
pub open spec fn contribution_projection(s: Scenario, monthly_contribution: Option<int>) -> Projection {
    let final_amount = num_add(grown_principal(s), grown_contributions(s, monthly_contribution));
    let paid_in = num_mul(
        monthly_contribution,
        num_mul(s.years, num_int(MONTHS_PER_YEAR as int)),
    );
    Projection {
        final_amount,
        total_interest: num_sub(num_sub(final_amount, s.principal), paid_in),
        principal: s.principal,
        effective_annual_rate: effective_annual_rate(s.annual_rate, s.compounds_per_year),
    }
}

/// Whether no time reaches `target`: the rate or the principal is not
/// positive, or the target is not above the principal.
pub open spec fn target_unreachable(
    principal: Option<int>,
    target: Option<int>,
    annual_rate: Option<int>,
) -> bool {
    num_le(annual_rate, Some(0)) || num_le(principal, Some(0)) || num_le(target, principal)
}

/// Years until `principal` has grown to `target`:
/// `ln(target / principal) / (n ln(1 + r/n))`, or zero where no time reaches it.
pub open spec fn years_to_target(
    principal: Option<int>,
    target: Option<int>,
    annual_rate: Option<int>,
    compounds_per_year: nat,
) -> Option<int> {
    if target_unreachable(principal, target, annual_rate) {
        Some(0)
    } else {
        num_div(
            num_ln(num_div(target, principal)),
            num_mul(
                num_int(compounds_per_year as int),
                num_ln(num_add(Some(SCALE as int), period_rate(annual_rate, compounds_per_year))),
            ),
        )
    }
}

/// Whether no principal can be named: the rate or the horizon is not
/// positive.
pub open spec fn principal_infeasible(annual_rate: Option<int>, years: Option<int>) -> bool {
    num_le(annual_rate, Some(0)) || num_le(years, Some(0))
}

/// Principal that grows to `target` in `years`: `target / (1 + r/n)^(n t)`, or
/// zero where none can be named.
pub open spec fn principal_for_target(
    target: Option<int>,
    annual_rate: Option<int>,
    compounds_per_year: nat,
    years: Option<int>,
) -> Option<int> {
    if principal_infeasible(annual_rate, years) {
        Some(0)
    } else {
        num_div(
            target,
            num_pow(
                num_add(Some(SCALE as int), period_rate(annual_rate, compounds_per_year)),
                period_count(compounds_per_year, years),
            ),
        )
    }
}

/// `(1 + r/n)^n - 1` for the given parameters.
fn effective_rate_of(params: &CompoundInterestParams) -> (r: Decimal)
    ensures
        r@ == effective_annual_rate(params@.annual_rate, params@.compounds_per_year),
{
    let compounds = Decimal::from_u32(params.compounds_per_year);
    Decimal::one().add(params.annual_rate.div(compounds)).pow(compounds).sub(Decimal::one())
}

/// `principal * (1 + r/n)^(n t)` for the given parameters.
fn grow_principal(params: &CompoundInterestParams) -> (r: Decimal)
    ensures
        r@ == grown_principal(params@),
{
    let compounds = Decimal::from_u32(params.compounds_per_year);
    compound_future_value(
        params.principal,
        params.annual_rate.div(compounds),
        compounds.mul(params.years),
    )
}

/// Projects a lump sum: `A = P (1 + r/n)^(n t)`, the interest `A - P` and the
/// effective annual rate `(1 + r/n)^n - 1`.
///
/// The frequency is meant to be at least one. With a frequency of zero the
/// rate per period is not a number and there is no period to compound over.
pub fn calculate_compound_interest(params: &CompoundInterestParams) -> (r: CompoundInterestResult)
    ensures
        r@ == growth_projection(params@),
{
    let final_amount = grow_principal(params);
    CompoundInterestResult {
        final_amount,
        total_interest: final_amount.sub(params.principal),
        principal: params.principal,
        effective_annual_rate: effective_rate_of(params),
    }
}

/// Projects a lump sum with a contribution paid every month. The
/// contributions grow at a twelfth of the annual rate per month, whatever the
/// compounding frequency of the principal, and the interest is what is left
/// of the final amount after the principal and all contributions.
pub fn calculate_compound_interest_with_contributions(
    params: &CompoundInterestParams,
    monthly_contribution: Decimal,
) -> (r: CompoundInterestResult)
    ensures
        r@ == contribution_projection(params@, monthly_contribution@),
{
    let months_per_year = Decimal::from_u32(MONTHS_PER_YEAR);
    let monthly_rate = params.annual_rate.div(months_per_year);
    let total_months = params.years.mul(months_per_year);
    let principal_future_value = grow_principal(params);
    let contribution_future_value = annuity_future_value(
        monthly_contribution,
        monthly_rate,
        total_months,
    );
    let final_amount = principal_future_value.add(contribution_future_value);
    CompoundInterestResult {
        final_amount,
        total_interest: final_amount.sub(params.principal).sub(
            monthly_contribution.mul(total_months),
        ),
        principal: params.principal,
        effective_annual_rate: effective_rate_of(params),
    }
}

/// Years until `principal` reaches `target_amount`. Returns exactly zero when
/// the rate is not positive, the principal is not positive, or the target is
/// not above the principal.
pub fn calculate_time_to_target(
    principal: Decimal,
    target_amount: Decimal,
    annual_rate: Decimal,
    compounds_per_year: u32,
) -> (r: Decimal)
    ensures
        r@ == years_to_target(principal@, target_amount@, annual_rate@, compounds_per_year as nat),
        target_unreachable(principal@, target_amount@, annual_rate@) ==> r@ == Some(0int),
{
    let zero = Decimal::zero();
    if annual_rate.le(&zero) || principal.le(&zero) || target_amount.le(&principal) {
        return zero;
    }
    let compounds = Decimal::from_u32(compounds_per_year);
    target_amount.div(principal).ln().div(
        compounds.mul(Decimal::one().add(annual_rate.div(compounds)).ln()),
    )
}

/// Principal that reaches `target_amount` after `years`. Returns exactly zero
/// when the rate or the horizon is not positive.
pub fn calculate_principal_for_target(
    target_amount: Decimal,
    annual_rate: Decimal,
    compounds_per_year: u32,
    years: Decimal,
) -> (r: Decimal)
    ensures
        r@ == principal_for_target(target_amount@, annual_rate@, compounds_per_year as nat, years@),
        principal_infeasible(annual_rate@, years@) ==> r@ == Some(0int),
{
    let zero = Decimal::zero();
    if annual_rate.le(&zero) || years.le(&zero) {
        return zero;
    }
    let compounds = Decimal::from_u32(compounds_per_year);
    target_amount.div(Decimal::one().add(annual_rate.div(compounds)).pow(compounds.mul(years)))
}

} // verus!
