//! Weekly compounding with weekly contributions and a tax on each year's gain.
//!
//! The weeks are cut into whole years of 52 weeks and one shorter rest. Each
//! segment grows the carried balance and the contributions paid in during it,
//! taxes the segment's gain if it is positive, and carries the balance after
//! tax into the next segment. The rest of a year pays the tax scaled by its
//! share of a year.

use crate::decimal::{num_add, num_div, num_int, num_lt, num_mul, num_sub, Decimal};
use crate::formulas::{
    annuity_future_value, annuity_value, compound_future_value, compound_value,
};
use vstd::prelude::*;

verus! {

/// Weeks in a tax year.
pub const WEEKS_PER_YEAR: u32 = 52;

/// The running totals of the accumulation, as decimals of the model.
pub struct TaxTotals {
    /// Balance carried into the next segment, after tax.
    pub balance: Option<int>,
    /// Tax paid so far.
    pub tax_paid: Option<int>,
    /// Contributions paid in so far.
    pub contributions: Option<int>,
}

/// Value before tax at the end of a segment of `periods` weeks that starts
/// with `balance`.
pub open spec fn segment_gross(
    balance: Option<int>,
    rate: Option<int>,
    contribution: Option<int>,
    periods: nat,
) -> Option<int> {
    num_add(
        compound_value(balance, rate, num_int(periods as int)),
        annuity_value(contribution, rate, num_int(periods as int)),
    )
}

/// Gain of a segment: its gross end value less the starting balance and the
/// contributions paid in during it.
pub open spec fn segment_profit(
    balance: Option<int>,
    rate: Option<int>,
    contribution: Option<int>,
    periods: nat,
) -> Option<int> {
    num_sub(
        num_sub(segment_gross(balance, rate, contribution, periods), balance),
        num_mul(contribution, num_int(periods as int)),
    )
}

/// Tax on a segment's gain: nothing unless the gain is positive, otherwise
/// the gain times the tax rate, and for a prorated segment that product
/// times `periods / 52`, the segment's share of a year.
pub open spec fn segment_tax(
    profit: Option<int>,
    tax_rate: Option<int>,
    periods: nat,
    prorated: bool,
) -> Option<int> {
    if !num_lt(Some(0), profit) {
        Some(0)
    } else if prorated {
        num_mul(
            num_mul(profit, tax_rate),
            num_div(num_int(periods as int), num_int(WEEKS_PER_YEAR as int)),
        )
    } else {
        num_mul(profit, tax_rate)
    }
}

/// The totals after one more segment of `periods` weeks: the balance is the
/// gross end value less the tax, and the tax and the contributions of the
/// segment are added to their totals.
pub open spec fn after_segment(
    before: TaxTotals,
    rate: Option<int>,
    contribution: Option<int>,
    tax_rate: Option<int>,
    periods: nat,
    prorated: bool,
) -> TaxTotals {
    let gross = segment_gross(before.balance, rate, contribution, periods);
    let tax = segment_tax(
        segment_profit(before.balance, rate, contribution, periods),
        tax_rate,
        periods,
        prorated,
    );
    TaxTotals {
        balance: num_sub(gross, tax),
        tax_paid: num_add(before.tax_paid, tax),
        contributions: num_add(
            before.contributions,
            num_mul(contribution, num_int(periods as int)),
        ),
    }
}

/// The totals after `years` whole years from `principal`, each a segment of
/// 52 weeks taxed in full.
pub open spec fn after_years(
    principal: Option<int>,
    rate: Option<int>,
    contribution: Option<int>,
    tax_rate: Option<int>,
    years: nat,
) -> TaxTotals
    decreases years,
{
    if years == 0 {
        TaxTotals { balance: principal, tax_paid: Some(0), contributions: Some(0) }
    } else {
        after_segment(
            after_years(principal, rate, contribution, tax_rate, (years - 1) as nat),
            rate,
            contribution,
            tax_rate,
            WEEKS_PER_YEAR as nat,
            false,
        )
    }
}

/// The totals after `weeks` weeks: `weeks / 52` whole years, then the rest
/// `weeks % 52`, if it is not empty, as one prorated segment.
pub open spec fn after_weeks(
    principal: Option<int>,
    rate: Option<int>,
    weeks: nat,
    contribution: Option<int>,
    tax_rate: Option<int>,
) -> TaxTotals {
    let whole = after_years(principal, rate, contribution, tax_rate, weeks / 52);
    if weeks % 52 > 0 {
        after_segment(whole, rate, contribution, tax_rate, weeks % 52, true)
    } else {
        whole
    }
}

/// Gain before tax over the whole run: what is left plus what was paid in
/// tax, less the principal and the contributions.
pub open spec fn profit_before_tax(principal: Option<int>, totals: TaxTotals) -> Option<int> {
    num_sub(num_sub(num_add(totals.balance, totals.tax_paid), principal), totals.contributions)
}

/// The executable running totals.
struct Totals {
    balance: Decimal,
    tax_paid: Decimal,
    contributions: Decimal,
}

impl View for Totals {
    type V = TaxTotals;

    closed spec fn view(&self) -> TaxTotals {
        TaxTotals {
            balance: self.balance@,
            tax_paid: self.tax_paid@,
            contributions: self.contributions@,
        }
    }
}

/// Runs one segment of `periods` weeks; `prorated` scales the tax by
/// `periods / 52`.
fn run_segment(
    before: Totals,
    rate: Decimal,
    contribution: Decimal,
    tax_rate: Decimal,
    periods: u32,
    prorated: bool,
) -> (after: Totals)
    ensures
        after@ == after_segment(
            before@,
            rate@,
            contribution@,
            tax_rate@,
            periods as nat,
            prorated,
        ),
{
    let span = Decimal::from_u32(periods);
    let paid_in = contribution.mul(span);
    let gross = compound_future_value(before.balance, rate, span).add(
        annuity_future_value(contribution, rate, span),
    );
    let profit = gross.sub(before.balance).sub(paid_in);
    let tax = if profit.gt(&Decimal::zero()) {
        if prorated {
            profit.mul(tax_rate).mul(span.div(Decimal::from_u32(WEEKS_PER_YEAR)))
        } else {
            profit.mul(tax_rate)
        }
    } else {
        Decimal::zero()
    };
    Totals {
        balance: gross.sub(tax),
        tax_paid: before.tax_paid.add(tax),
        contributions: before.contributions.add(paid_in),
    }
}

/// Projects `principal` over `weeks` weeks at `weekly_rate` per week with
/// `weekly_contribution` paid in each week, taxing each year's positive gain at
/// `capital_gains_tax`. Returns the balance after tax, the gain before tax and
/// the tax paid.
pub fn calculate_weekly_with_yearly_tax(
    principal: Decimal,
    weekly_rate: Decimal,
    weeks: u32,
    weekly_contribution: Decimal,
    capital_gains_tax: Decimal,
) -> (r: (Decimal, Decimal, Decimal))
    ensures
        ({
            let totals = after_weeks(
                principal@,
                weekly_rate@,
                weeks as nat,
                weekly_contribution@,
                capital_gains_tax@,
            );
            &&& r.0@ == totals.balance
            &&& r.1@ == profit_before_tax(principal@, totals)
            &&& r.2@ == totals.tax_paid
        }),
        weeks == 0 ==> r.0@ == principal@ && r.2@ == Some(0int) && (principal@ is Some ==> r.1@
            == Some(0int)),
{
    proof {
        use_type_invariant(principal);
    }
    let years: u32 = weeks / WEEKS_PER_YEAR;
    let remaining: u32 = weeks % WEEKS_PER_YEAR;
    let mut totals = Totals {
        balance: principal,
        tax_paid: Decimal::zero(),
        contributions: Decimal::zero(),
    };
    let mut year: u32 = 0;
    while year < years
        invariant
            year <= years,
            totals@ == after_years(
                principal@,
                weekly_rate@,
                weekly_contribution@,
                capital_gains_tax@,
                year as nat,
            ),
        decreases years - year,
    {
        totals =
        run_segment(totals, weekly_rate, weekly_contribution, capital_gains_tax, WEEKS_PER_YEAR, false);
        year = year + 1;
    }
    if remaining > 0 {
        totals =
        run_segment(totals, weekly_rate, weekly_contribution, capital_gains_tax, remaining, true);
    }
    let profit = totals.balance.add(totals.tax_paid).sub(principal).sub(totals.contributions);
    (totals.balance, profit, totals.tax_paid)
}

} // verus!
