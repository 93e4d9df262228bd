//! What holds of the weekly accumulation with tax, proved from its model.
//!
//! Amounts in these statements are raw values: integer counts of 10^-18.
//! Where a statement of the real numbers fails for amounts that rounding
//! cannot tell from nothing, the law names the amount from which it holds.

use crate::decimal::{checked, in_range, num_div, num_int, num_lt, num_mul, num_sub, SCALE};
use crate::explog::{lemma_pow_at_least_one, lemma_pow_of_nan, lemma_pow_whole};
use crate::formulas::{annuity_value, growth_factor};
use crate::power::lemma_powi_bernoulli;
use crate::rounding::{
    lemma_quotient_at_least, lemma_quotient_between, lemma_scaled_product_gap,
    lemma_scaled_product_grows, lemma_scaled_product_monotone, lemma_scaled_product_shrinks,
    lemma_trunc_quot_nonneg,
};
use crate::tax::{
    after_segment, after_weeks, after_years, segment_gross, segment_profit, segment_tax, TaxTotals,
    WEEKS_PER_YEAR,
};
use vstd::prelude::*;

verus! {

/// How the weeks are cut: `years` whole years and `rest < 52` further weeks
/// run `years` full segments, followed by one prorated segment of `rest`
/// weeks exactly when `rest` is not zero.
pub proof fn lemma_segments_of_weeks(
    principal: Option<int>,
    rate: Option<int>,
    contribution: Option<int>,
    tax_rate: Option<int>,
    years: nat,
    rest: nat,
)
    requires
        rest < 52,
    ensures
        segment_count(52 * years + rest) == years + if rest > 0 {
            1nat
        } else {
            0nat
        },
        after_weeks(principal, rate, 52 * years + rest, contribution, tax_rate) == if rest > 0 {
            after_segment(
                after_years(principal, rate, contribution, tax_rate, years),
                rate,
                contribution,
                tax_rate,
                rest,
                true,
            )
        } else {
            after_years(principal, rate, contribution, tax_rate, years)
        },
{
    vstd::arithmetic::div_mod::lemma_fundamental_div_mod_converse(
        (52 * years + rest) as int,
        52,
        years as int,
        rest as int,
    );
}

/// The balance after `years` whole years when no tax is ever charged.
pub open spec fn untaxed_after_years(
    principal: Option<int>,
    rate: Option<int>,
    contribution: Option<int>,
    years: nat,
) -> Option<int>
    decreases years,
{
    if years == 0 {
        principal
    } else {
        segment_gross(
            untaxed_after_years(principal, rate, contribution, (years - 1) as nat),
            rate,
            contribution,
            WEEKS_PER_YEAR as nat,
        )
    }
}

/// The balance after `weeks` weeks when no tax is ever charged: the same
/// segments, each carrying its gross end value forward.
pub open spec fn untaxed_after_weeks(
    principal: Option<int>,
    rate: Option<int>,
    weeks: nat,
    contribution: Option<int>,
) -> Option<int> {
    let whole = untaxed_after_years(principal, rate, contribution, weeks / 52);
    if weeks % 52 > 0 {
        segment_gross(whole, rate, contribution, weeks % 52)
    } else {
        whole
    }
}

/// At a tax rate of zero a segment pays no tax and carries its gross value.
proof fn lemma_zero_tax_segment(
    balance: Option<int>,
    rate: Option<int>,
    contribution: Option<int>,
    periods: nat,
)
    requires
        1 <= periods <= 52,
    ensures
        forall|prorated: bool|
            #[trigger] segment_tax(
                segment_profit(balance, rate, contribution, periods),
                Some(0),
                periods,
                prorated,
            ) == Some(0int),
        num_sub(segment_gross(balance, rate, contribution, periods), Some(0)) == segment_gross(
            balance,
            rate,
            contribution,
            periods,
        ),
{
    let profit = segment_profit(balance, rate, contribution, periods);
    if let Some(p) = profit {
        lemma_year_share(periods);
        let share = num_div(num_int(periods as int), num_int(WEEKS_PER_YEAR as int));
        assert(p * 0 == 0);
        assert(0 * share->0 == 0);
        assert(num_mul(num_mul(profit, Some(0)), share) == Some(0int));
    }
}

proof fn lemma_zero_tax_years(
    principal: Option<int>,
    rate: Option<int>,
    contribution: Option<int>,
    years: nat,
)
    ensures
        after_years(principal, rate, contribution, Some(0), years).balance == untaxed_after_years(
            principal,
            rate,
            contribution,
            years,
        ),
        after_years(principal, rate, contribution, Some(0), years).tax_paid == Some(0int),
    decreases years,
{
    if years > 0 {
        lemma_zero_tax_years(principal, rate, contribution, (years - 1) as nat);
        lemma_zero_tax_segment(
            untaxed_after_years(principal, rate, contribution, (years - 1) as nat),
            rate,
            contribution,
            WEEKS_PER_YEAR as nat,
        );
    }
}

/// With a tax rate of zero no tax is paid, and the balance is exactly the one
/// that compounding alone gives.
pub proof fn lemma_zero_tax_changes_nothing(
    principal: Option<int>,
    rate: Option<int>,
    weeks: nat,
    contribution: Option<int>,
)
    ensures
        after_weeks(principal, rate, weeks, contribution, Some(0)).balance == untaxed_after_weeks(
            principal,
            rate,
            weeks,
            contribution,
        ),
        after_weeks(principal, rate, weeks, contribution, Some(0)).tax_paid == Some(0int),
{
    lemma_zero_tax_years(principal, rate, contribution, weeks / 52);
    if weeks % 52 > 0 {
        lemma_zero_tax_segment(
            untaxed_after_years(principal, rate, contribution, weeks / 52),
            rate,
            contribution,
            weeks % 52,
        );
    }
}

/// The share of a year that `periods` weeks are, as the model computes it.
proof fn lemma_year_share(periods: nat)
    requires
        1 <= periods <= 52,
    ensures
        num_div(num_int(periods as int), num_int(WEEKS_PER_YEAR as int)) matches Some(share) && 0
            <= share <= SCALE && share == (periods * SCALE * SCALE) / (52 * SCALE),
{
    lemma_trunc_quot_nonneg(periods * SCALE * SCALE, 52 * SCALE);
    lemma_quotient_between(periods * SCALE * SCALE, 52 * SCALE, 0, SCALE as int);
}

/// The tax on a segment is not negative and at most the gain it is charged
/// on; there is none without a positive gain.
proof fn lemma_tax_within_profit(
    profit: Option<int>,
    tax_rate: int,
    periods: nat,
    prorated: bool,
)
    requires
        0 <= tax_rate <= SCALE,
        1 <= periods <= 52,
        profit matches Some(p) ==> in_range(p),
    ensures
        segment_tax(profit, Some(tax_rate), periods, prorated) matches Some(t) && 0 <= t && (
        !num_lt(Some(0), profit) ==> t == 0) && (num_lt(Some(0), profit) ==> {
            let full = (profit->0 * tax_rate) / (SCALE as int);
            let share = (periods * SCALE * SCALE) / (52 * SCALE);
            &&& 0 <= full <= profit->0
            &&& 0 <= share <= SCALE
            &&& t <= full
            &&& !prorated ==> t == full
            &&& prorated ==> t == (full * share) / (SCALE as int)
        }),
{
    if num_lt(Some(0), profit) {
        let p = profit->0;
        lemma_scaled_product_shrinks(p, tax_rate);
        let full = (p * tax_rate) / (SCALE as int);
        assert(num_mul(profit, Some(tax_rate)) == Some(full));
        lemma_year_share(periods);
        let share = num_div(num_int(periods as int), num_int(WEEKS_PER_YEAR as int))->0;
        lemma_scaled_product_shrinks(full, share);
    }
}

/// What a segment's contributions add up to, and that their future value is
/// not negative.
proof fn lemma_contributions_nonneg(contribution: int, rate: int, periods: nat)
    requires
        contribution >= 0,
        rate >= 0,
        1 <= periods <= 52,
    ensures
        num_mul(Some(contribution), num_int(periods as int)) == checked(contribution * periods),
        contribution * periods >= 0,
        annuity_value(Some(contribution), Some(rate), num_int(periods as int)) matches Some(a)
            ==> a >= 0,
{
    let span = num_int(periods as int);
    assert(span == Some(periods * SCALE));
    assert(contribution * (periods * SCALE) == (contribution * periods) * SCALE && contribution
        * periods >= 0) by (nonlinear_arith)
        requires
            contribution >= 0,
            periods >= 1,
    ;
    lemma_trunc_quot_nonneg((contribution * periods) * SCALE, SCALE as int);
    lemma_quotient_between(
        (contribution * periods) * SCALE,
        SCALE as int,
        contribution * periods,
        contribution * periods,
    );
    if rate > 0 {
        let factor = growth_factor(Some(rate), span);
        if let Some(f) = factor {
            lemma_pow_at_least_one(SCALE + rate, periods * SCALE);
            lemma_pow_of_nan(periods * SCALE);
            assert(contribution * (f - SCALE) >= 0) by (nonlinear_arith)
                requires
                    contribution >= 0,
                    f >= SCALE,
            ;
            lemma_trunc_quot_nonneg(contribution * (f - SCALE), SCALE as int);
            let q = (contribution * (f - SCALE)) / (SCALE as int);
            assert(q * SCALE >= 0) by (nonlinear_arith)
                requires
                    q >= 0,
                    SCALE > 0,
            ;
            lemma_trunc_quot_nonneg(q * SCALE, rate);
        }
    }
}

/// One segment keeps the after-tax balance and the tax paid, taken together,
/// at or below the untaxed balance.
proof fn lemma_segment_shortfall(
    before: TaxTotals,
    untaxed: int,
    rate: int,
    contribution: int,
    tax_rate: int,
    periods: nat,
    prorated: bool,
)
    requires
        before.balance matches Some(b) && before.tax_paid matches Some(x) && 0 <= b && 0 <= x && b
            + x <= untaxed,
        rate >= 0,
        contribution >= 0,
        0 <= tax_rate <= SCALE,
        1 <= periods <= 52,
    ensures
        ({
            let after = after_segment(
                before,
                Some(rate),
                Some(contribution),
                Some(tax_rate),
                periods,
                prorated,
            );
            let gross = segment_gross(Some(untaxed), Some(rate), Some(contribution), periods);
            (after.balance is Some && after.tax_paid is Some && gross is Some) ==> 0
                <= after.balance->0 && 0 <= after.tax_paid->0 && after.balance->0
                + after.tax_paid->0 <= gross->0
        }),
{
    let b = before.balance->0;
    let span = num_int(periods as int);
    let factor = growth_factor(Some(rate), span);
    let mine = segment_gross(Some(b), Some(rate), Some(contribution), periods);
    let theirs = segment_gross(Some(untaxed), Some(rate), Some(contribution), periods);
    let profit = segment_profit(Some(b), Some(rate), Some(contribution), periods);
    if mine is Some && theirs is Some {
        let f = factor->0;
        lemma_pow_at_least_one(SCALE + rate, periods * SCALE);
        lemma_pow_of_nan(periods * SCALE);
        lemma_scaled_product_grows(b, f);
        lemma_scaled_product_grows(untaxed, f);
        lemma_scaled_product_gap(b, untaxed, f);
        lemma_contributions_nonneg(contribution, rate, periods);
        lemma_tax_within_profit(profit, tax_rate, periods, prorated);
    }
}

proof fn lemma_shortfall_years(
    principal: int,
    rate: int,
    contribution: int,
    tax_rate: int,
    years: nat,
)
    requires
        principal >= 0,
        rate >= 0,
        contribution >= 0,
        0 <= tax_rate <= SCALE,
    ensures
        ({
            let taxed = after_years(
                Some(principal),
                Some(rate),
                Some(contribution),
                Some(tax_rate),
                years,
            );
            let untaxed = untaxed_after_years(
                Some(principal),
                Some(rate),
                Some(contribution),
                years,
            );
            (taxed.balance is Some && taxed.tax_paid is Some && untaxed is Some) ==> 0
                <= taxed.balance->0 && 0 <= taxed.tax_paid->0 && taxed.balance->0
                + taxed.tax_paid->0 <= untaxed->0
        }),
    decreases years,
{
    if years > 0 {
        lemma_shortfall_years(principal, rate, contribution, tax_rate, (years - 1) as nat);
        let before = after_years(
            Some(principal),
            Some(rate),
            Some(contribution),
            Some(tax_rate),
            (years - 1) as nat,
        );
        let untaxed = untaxed_after_years(
            Some(principal),
            Some(rate),
            Some(contribution),
            (years - 1) as nat,
        );
        if before.balance is Some && before.tax_paid is Some && untaxed is Some {
            lemma_segment_shortfall(
                before,
                untaxed->0,
                rate,
                contribution,
                tax_rate,
                WEEKS_PER_YEAR as nat,
                false,
            );
        }
    }
}

/// Tax is a pure drag. For a principal, a rate and a contribution that are
/// not negative and a tax rate between zero and one, whenever the results
/// are numbers: the tax paid and the balance after tax are not negative, and
/// the balance after tax falls short of the untaxed balance by at least the
/// tax paid. So the balance after tax is strictly below the untaxed one as
/// soon as any tax was paid.
pub proof fn lemma_tax_is_a_drag(
    principal: int,
    rate: int,
    weeks: nat,
    contribution: int,
    tax_rate: int,
)
    requires
        principal >= 0,
        rate >= 0,
        contribution >= 0,
        0 <= tax_rate <= SCALE,
    ensures
        ({
            let taxed = after_weeks(
                Some(principal),
                Some(rate),
                weeks,
                Some(contribution),
                Some(tax_rate),
            );
            let untaxed = untaxed_after_weeks(
                Some(principal),
                Some(rate),
                weeks,
                Some(contribution),
            );
            (taxed.balance is Some && taxed.tax_paid is Some && untaxed is Some) ==> 0
                <= taxed.balance->0 && 0 <= taxed.tax_paid->0 && taxed.balance->0
                + taxed.tax_paid->0 <= untaxed->0
        }),
{
    lemma_shortfall_years(principal, rate, contribution, tax_rate, weeks / 52);
    if weeks % 52 > 0 {
        let before = after_years(
            Some(principal),
            Some(rate),
            Some(contribution),
            Some(tax_rate),
            weeks / 52,
        );
        let untaxed = untaxed_after_years(
            Some(principal),
            Some(rate),
            Some(contribution),
            weeks / 52,
        );
        if before.balance is Some && before.tax_paid is Some && untaxed is Some {
            lemma_segment_shortfall(
                before,
                untaxed->0,
                rate,
                contribution,
                tax_rate,
                weeks % 52,
                true,
            );
        }
    }
}

/// What rounding can cost one segment's contributions: nothing at a rate of
/// zero, otherwise the whole part of `1 / rate` plus one, in units of 10^-18.
pub open spec fn rounding_allowance(rate: int) -> int {
    if rate > 0 {
        (SCALE as int) / rate + 1
    } else {
        0
    }
}

/// The number of segments that `weeks` weeks are cut into.
pub open spec fn segment_count(weeks: nat) -> nat {
    if weeks % 52 > 0 {
        weeks / 52 + 1
    } else {
        weeks / 52
    }
}

/// The future value of a segment's contributions is at least what was paid
/// in, up to the rounding allowance.
proof fn lemma_annuity_covers_contributions(contribution: int, rate: int, periods: nat)
    requires
        contribution >= 0,
        rate >= 0,
        1 <= periods <= 52,
    ensures
        annuity_value(Some(contribution), Some(rate), num_int(periods as int)) matches Some(a)
            ==> a + rounding_allowance(rate) >= contribution * periods,
{
    let span = num_int(periods as int);
    assert(span == Some(periods * SCALE));
    lemma_contributions_nonneg(contribution, rate, periods);
    let annuity = annuity_value(Some(contribution), Some(rate), span);
    if rate > 0 && annuity is Some {
        let a = annuity->0;
        let f = growth_factor(Some(rate), span)->0;
        lemma_pow_whole(Some(SCALE + rate), periods);
        lemma_pow_of_nan(periods * SCALE);
        lemma_powi_bernoulli(rate, periods);
        assert(f >= SCALE + periods * rate);
        let x = contribution * (f - SCALE);
        assert(x >= contribution * periods * rate && x >= 0) by (nonlinear_arith)
            requires
                x == contribution * (f - SCALE),
                f - SCALE >= periods * rate,
                contribution >= 0,
                periods >= 1,
                rate > 0,
        ;
        lemma_trunc_quot_nonneg(x, SCALE as int);
        let q = x / (SCALE as int);
        assert(q * SCALE >= 0) by (nonlinear_arith)
            requires
                q >= 0,
                SCALE > 0,
        ;
        lemma_trunc_quot_nonneg(q * SCALE, rate);
        lemma_trunc_quot_nonneg(SCALE as int, rate);
        assert(a == (q * SCALE) / rate);
        let spare = (SCALE as int) / rate;
        assert(a + spare + 1 >= contribution * periods) by (nonlinear_arith)
            requires
                rate > 0,
                SCALE * q <= x < SCALE * q + SCALE,
                rate * a <= q * SCALE < rate * a + rate,
                rate * spare <= SCALE < rate * spare + rate,
                x >= contribution * periods * rate,
        {
            if a + spare + 1 < contribution * periods {
                assert(rate * (a + spare + 2) <= rate * (contribution * periods));
                assert(rate * (contribution * periods) == contribution * periods * rate);
            }
        }
    }
}

/// After one segment the balance covers the balance before it and the
/// contributions paid in during it, up to the rounding allowance.
proof fn lemma_segment_floor(
    before: TaxTotals,
    rate: int,
    contribution: int,
    tax_rate: int,
    periods: nat,
    prorated: bool,
)
    requires
        before.balance matches Some(b) && 0 <= b,
        rate >= 0,
        contribution >= 0,
        0 <= tax_rate <= SCALE,
        1 <= periods <= 52,
    ensures
        ({
            let after = after_segment(
                before,
                Some(rate),
                Some(contribution),
                Some(tax_rate),
                periods,
                prorated,
            );
            &&& after.balance is Some ==> 0 <= after.balance->0 && after.balance->0
                + rounding_allowance(rate) >= before.balance->0 + contribution * periods
            &&& after.contributions is Some ==> before.contributions is Some
                && after.contributions->0 == before.contributions->0 + contribution * periods
        }),
{
    let b = before.balance->0;
    let span = num_int(periods as int);
    let factor = growth_factor(Some(rate), span);
    let mine = segment_gross(Some(b), Some(rate), Some(contribution), periods);
    let profit = segment_profit(Some(b), Some(rate), Some(contribution), periods);
    lemma_contributions_nonneg(contribution, rate, periods);
    if mine is Some {
        let f = factor->0;
        lemma_pow_at_least_one(SCALE + rate, periods * SCALE);
        lemma_pow_of_nan(periods * SCALE);
        lemma_scaled_product_grows(b, f);
        lemma_annuity_covers_contributions(contribution, rate, periods);
        lemma_tax_within_profit(profit, tax_rate, periods, prorated);
    }
}

proof fn lemma_floor_years(principal: int, rate: int, contribution: int, tax_rate: int, years: nat)
    requires
        principal >= 0,
        rate >= 0,
        contribution >= 0,
        0 <= tax_rate <= SCALE,
    ensures
        ({
            let taxed = after_years(
                Some(principal),
                Some(rate),
                Some(contribution),
                Some(tax_rate),
                years,
            );
            &&& taxed.balance is Some ==> 0 <= taxed.balance->0
            &&& (taxed.balance is Some && taxed.contributions is Some) ==> taxed.balance->0 + years
                * rounding_allowance(rate) >= principal + taxed.contributions->0
        }),
    decreases years,
{
    if years == 0 {
        assert(years * rounding_allowance(rate) == 0) by (nonlinear_arith)
            requires
                years == 0,
        ;
    } else {
        lemma_floor_years(principal, rate, contribution, tax_rate, (years - 1) as nat);
        let before = after_years(
            Some(principal),
            Some(rate),
            Some(contribution),
            Some(tax_rate),
            (years - 1) as nat,
        );
        if before.balance is Some {
            lemma_segment_floor(
                before,
                rate,
                contribution,
                tax_rate,
                WEEKS_PER_YEAR as nat,
                false,
            );
        }
        assert(years * rounding_allowance(rate) == (years - 1) * rounding_allowance(rate)
            + rounding_allowance(rate)) by (nonlinear_arith);
    }
}

/// What is paid in is never lost. For a principal, a rate and a contribution
/// that are not negative and a tax rate between zero and one, whenever the
/// results are numbers, the balance after tax is at least the principal plus
/// all contributions, less the rounding allowance for each segment. At a rate
/// of zero it is exactly that sum.
pub proof fn lemma_balance_floor(
    principal: int,
    rate: int,
    weeks: nat,
    contribution: int,
    tax_rate: int,
)
    requires
        principal >= 0,
        rate >= 0,
        contribution >= 0,
        0 <= tax_rate <= SCALE,
    ensures
        ({
            let taxed = after_weeks(
                Some(principal),
                Some(rate),
                weeks,
                Some(contribution),
                Some(tax_rate),
            );
            (taxed.balance is Some && taxed.contributions is Some) ==> taxed.balance->0
                + segment_count(weeks) * rounding_allowance(rate) >= principal
                + taxed.contributions->0
        }),
{
    let years = weeks / 52;
    lemma_floor_years(principal, rate, contribution, tax_rate, years);
    if weeks % 52 > 0 {
        let before = after_years(
            Some(principal),
            Some(rate),
            Some(contribution),
            Some(tax_rate),
            years,
        );
        if before.balance is Some {
            lemma_segment_floor(before, rate, contribution, tax_rate, weeks % 52, true);
        }
        assert((years + 1) * rounding_allowance(rate) == years * rounding_allowance(rate)
            + rounding_allowance(rate)) by (nonlinear_arith);
    }
}

/// What the principal earns in one week at least, less the rounding
/// allowance: the least gain of any segment.
pub open spec fn least_segment_gain(principal: int, rate: int) -> int {
    (principal * rate) / (SCALE as int) - rounding_allowance(rate)
}

/// A segment that starts with at least the principal leaves its balance
/// above the balance before it and the contributions paid in during it.
proof fn lemma_segment_growth(
    before: TaxTotals,
    principal: int,
    rate: int,
    contribution: int,
    tax_rate: int,
    periods: nat,
    prorated: bool,
)
    requires
        before.balance matches Some(b) && 0 <= principal <= b,
        rate > 0,
        contribution >= 0,
        0 <= tax_rate <= SCALE,
        least_segment_gain(principal, rate) * (SCALE - tax_rate) >= SCALE,
        1 <= periods <= 52,
    ensures
        ({
            let after = after_segment(
                before,
                Some(rate),
                Some(contribution),
                Some(tax_rate),
                periods,
                prorated,
            );
            after.balance is Some ==> after.balance->0 >= before.balance->0 + contribution
                * periods + 1
        }),
{
    let b = before.balance->0;
    let span = num_int(periods as int);
    let factor = growth_factor(Some(rate), span);
    let mine = segment_gross(Some(b), Some(rate), Some(contribution), periods);
    let profit = segment_profit(Some(b), Some(rate), Some(contribution), periods);
    lemma_contributions_nonneg(contribution, rate, periods);
    if mine is Some {
        let f = factor->0;
        let gross = mine->0;
        let least = least_segment_gain(principal, rate);
        lemma_pow_whole(Some(SCALE + rate), periods);
        lemma_pow_of_nan(periods * SCALE);
        lemma_powi_bernoulli(rate, periods);
        lemma_annuity_covers_contributions(contribution, rate, periods);
        lemma_tax_within_profit(profit, tax_rate, periods, prorated);
        // The carried balance alone earns at least the least gain plus the allowance.
        lemma_scaled_product_monotone(principal, b, rate);
        let lead = (b * rate) / (SCALE as int);
        assert(b * f >= (b + lead) * SCALE && b * f >= 0) by (nonlinear_arith)
            requires
                b >= 0,
                f >= SCALE + periods * rate,
                periods >= 1,
                rate > 0,
                SCALE > 0,
                SCALE * lead <= b * rate,
        {
            assert(b * f >= b * (SCALE + rate));
        }
        lemma_trunc_quot_nonneg(b * rate, SCALE as int);
        lemma_trunc_quot_nonneg(b * f, SCALE as int);
        lemma_quotient_at_least(b * f, SCALE as int, b + lead);
        let gain = gross - b - contribution * periods;
        assert(gain >= least);
        assert(least >= 1 && SCALE - tax_rate >= 1) by (nonlinear_arith)
            requires
                least * (SCALE - tax_rate) >= SCALE,
                0 <= tax_rate <= SCALE,
                SCALE > 0,
        ;
        assert(profit == Some(gain));
        let p = gain;
        let full = (p * tax_rate) / (SCALE as int);
        assert(p * tax_rate >= 0) by (nonlinear_arith)
            requires
                p >= 1,
                tax_rate >= 0,
        ;
        lemma_trunc_quot_nonneg(p * tax_rate, SCALE as int);
        assert(p - full >= 1) by (nonlinear_arith)
            requires
                SCALE * full <= p * tax_rate,
                p >= least,
                least * (SCALE - tax_rate) >= SCALE,
                SCALE - tax_rate >= 1,
                SCALE > 0,
        {
            assert(p * (SCALE - tax_rate) >= least * (SCALE - tax_rate));
            assert(SCALE * (p - full) >= p * (SCALE - tax_rate));
        }
        if prorated {
            lemma_year_share(periods);
            let share = (periods * SCALE * SCALE) / (52 * SCALE);
            lemma_scaled_product_shrinks(full, share);
        }
    }
}

proof fn lemma_growth_years(
    principal: int,
    rate: int,
    contribution: int,
    tax_rate: int,
    years: nat,
)
    requires
        principal >= 0,
        rate > 0,
        contribution >= 0,
        0 <= tax_rate <= SCALE,
        least_segment_gain(principal, rate) * (SCALE - tax_rate) >= SCALE,
    ensures
        ({
            let taxed = after_years(
                Some(principal),
                Some(rate),
                Some(contribution),
                Some(tax_rate),
                years,
            );
            &&& taxed.balance is Some ==> taxed.balance->0 >= principal
            &&& (taxed.balance is Some && taxed.contributions is Some) ==> taxed.balance->0
                >= principal + taxed.contributions->0 + years
        }),
    decreases years,
{
    if years > 0 {
        lemma_growth_years(principal, rate, contribution, tax_rate, (years - 1) as nat);
        let before = after_years(
            Some(principal),
            Some(rate),
            Some(contribution),
            Some(tax_rate),
            (years - 1) as nat,
        );
        if before.balance is Some {
            lemma_segment_growth(
                before,
                principal,
                rate,
                contribution,
                tax_rate,
                WEEKS_PER_YEAR as nat,
                false,
            );
            lemma_segment_floor(
                before,
                rate,
                contribution,
                tax_rate,
                WEEKS_PER_YEAR as nat,
                false,
            );
            lemma_contributions_nonneg(contribution, rate, WEEKS_PER_YEAR as nat);
        }
    }
}

/// Growth outruns tax and rounding. For a principal and a contribution
/// that are not negative, a positive rate and a tax rate between zero and
/// one: if the least gain of a segment, taxed, still leaves one unit of
/// 10^-18, then whenever the results are numbers the balance after tax
/// exceeds the principal plus all contributions by at least one unit for
/// each segment. With at least one week it is strictly above what was paid
/// in.
pub proof fn lemma_balance_exceeds_paid_in(
    principal: int,
    rate: int,
    weeks: nat,
    contribution: int,
    tax_rate: int,
)
    requires
        principal >= 0,
        rate > 0,
        contribution >= 0,
        0 <= tax_rate <= SCALE,
        least_segment_gain(principal, rate) * (SCALE - tax_rate) >= SCALE,
    ensures
        ({
            let taxed = after_weeks(
                Some(principal),
                Some(rate),
                weeks,
                Some(contribution),
                Some(tax_rate),
            );
            (taxed.balance is Some && taxed.contributions is Some) ==> {
                &&& taxed.balance->0 >= principal + taxed.contributions->0 + segment_count(weeks)
                &&& weeks >= 1 ==> taxed.balance->0 > principal + taxed.contributions->0
            }
        }),
{
    let years = weeks / 52;
    lemma_growth_years(principal, rate, contribution, tax_rate, years);
    if weeks % 52 > 0 {
        let before = after_years(
            Some(principal),
            Some(rate),
            Some(contribution),
            Some(tax_rate),
            years,
        );
        if before.balance is Some {
            lemma_segment_growth(
                before,
                principal,
                rate,
                contribution,
                tax_rate,
                weeks % 52,
                true,
            );
            lemma_segment_floor(before, rate, contribution, tax_rate, weeks % 52, true);
        }
    }
}

/// The most that a segment's gain times the tax rate can be while the
/// segment pays no tax, in units of 10^-36: just under 53 units of 10^-18.
pub open spec fn untaxed_gain_limit() -> int {
    53 * SCALE - 1
}

/// A segment that pays no tax has a gain whose product with the tax rate is
/// within the limit, and every segment adds its gain to the gain so far.
proof fn lemma_segment_gain(
    before: TaxTotals,
    rate: int,
    contribution: int,
    tax_rate: int,
    periods: nat,
    prorated: bool,
)
    requires
        before.balance matches Some(b) && 0 <= b,
        before.tax_paid matches Some(x) && 0 <= x,
        rate >= 0,
        contribution >= 0,
        0 <= tax_rate <= SCALE,
        1 <= periods <= 52,
    ensures
        ({
            let after = after_segment(
                before,
                Some(rate),
                Some(contribution),
                Some(tax_rate),
                periods,
                prorated,
            );
            &&& after.tax_paid is Some ==> after.tax_paid->0 >= before.tax_paid->0
            &&& (after.balance is Some && after.tax_paid is Some && after.contributions is Some
                && after.tax_paid->0 == before.tax_paid->0) ==> before.contributions is Some && (
            after.balance->0 - after.contributions->0 - (before.balance->0
                - before.contributions->0)) * tax_rate <= untaxed_gain_limit()
        }),
{
    let b = before.balance->0;
    let span = num_int(periods as int);
    let factor = growth_factor(Some(rate), span);
    let mine = segment_gross(Some(b), Some(rate), Some(contribution), periods);
    let profit = segment_profit(Some(b), Some(rate), Some(contribution), periods);
    lemma_contributions_nonneg(contribution, rate, periods);
    lemma_tax_within_profit(profit, tax_rate, periods, prorated);
    if mine is Some && before.contributions is Some {
        let f = factor->0;
        let gross = mine->0;
        lemma_pow_at_least_one(SCALE + rate, periods * SCALE);
        lemma_pow_of_nan(periods * SCALE);
        lemma_scaled_product_grows(b, f);
        let gain = gross - b - contribution * periods;
        if num_lt(Some(0), profit) {
            let p = profit->0;
            assert(p == gain);
            assert(p * tax_rate >= 0) by (nonlinear_arith)
                requires
                    p > 0,
                    tax_rate >= 0,
            ;
            lemma_trunc_quot_nonneg(p * tax_rate, SCALE as int);
            let full = (p * tax_rate) / (SCALE as int);
            if prorated {
                lemma_year_share(periods);
                let share = (periods * SCALE * SCALE) / (52 * SCALE);
                lemma_quotient_at_least(
                    periods * SCALE * SCALE,
                    52 * SCALE,
                    19_230_769_230_769_230,
                );
                assert(full * share >= 0) by (nonlinear_arith)
                    requires
                        full >= 0,
                        share >= 0,
                ;
                lemma_trunc_quot_nonneg(full * share, SCALE as int);
                if (full * share) / (SCALE as int) == 0 {
                    assert(full <= 52) by (nonlinear_arith)
                        requires
                            full * share < SCALE,
                            share >= 19_230_769_230_769_230,
                            SCALE == 1_000_000_000_000_000_000,
                            full >= 0,
                    ;
                }
            }
        } else {
            assert(gain <= 0);
            assert(gain * tax_rate <= 0) by (nonlinear_arith)
                requires
                    gain <= 0,
                    tax_rate >= 0,
            ;
        }
    }
}

proof fn lemma_gain_years(principal: int, rate: int, contribution: int, tax_rate: int, years: nat)
    requires
        principal >= 0,
        rate >= 0,
        contribution >= 0,
        0 <= tax_rate <= SCALE,
    ensures
        ({
            let taxed = after_years(
                Some(principal),
                Some(rate),
                Some(contribution),
                Some(tax_rate),
                years,
            );
            &&& taxed.balance is Some ==> 0 <= taxed.balance->0
            &&& taxed.tax_paid is Some ==> 0 <= taxed.tax_paid->0
            &&& (taxed.balance is Some && taxed.tax_paid is Some && taxed.contributions is Some
                && taxed.tax_paid->0 == 0) ==> (taxed.balance->0 - taxed.contributions->0
                - principal) * tax_rate <= years * untaxed_gain_limit()
        }),
    decreases years,
{
    lemma_floor_years(principal, rate, contribution, tax_rate, years);
    if years == 0 {
        assert(0 * tax_rate <= years * untaxed_gain_limit()) by (nonlinear_arith)
            requires
                years == 0,
        ;
    } else {
        lemma_gain_years(principal, rate, contribution, tax_rate, (years - 1) as nat);
        let before = after_years(
            Some(principal),
            Some(rate),
            Some(contribution),
            Some(tax_rate),
            (years - 1) as nat,
        );
        let after = after_years(
            Some(principal),
            Some(rate),
            Some(contribution),
            Some(tax_rate),
            years,
        );
        if before.balance is Some && before.tax_paid is Some {
            lemma_segment_gain(before, rate, contribution, tax_rate, WEEKS_PER_YEAR as nat, false);
            if after.balance is Some && after.tax_paid is Some && after.contributions is Some
                && after.tax_paid->0 == 0 {
                let earlier = before.balance->0 - before.contributions->0 - principal;
                let gain = after.balance->0 - after.contributions->0 - (before.balance->0
                    - before.contributions->0);
                assert((earlier + gain) * tax_rate <= years * untaxed_gain_limit())
                    by (nonlinear_arith)
                    requires
                        earlier * tax_rate <= (years - 1) * untaxed_gain_limit(),
                        gain * tax_rate <= untaxed_gain_limit(),
                ;
            }
        }
    }
}

/// A gain worth taxing is taxed. For a principal, a rate and a contribution
/// that are not negative and a tax rate between zero and one, whenever the
/// results are numbers: if the gain before tax times the tax rate is above
/// the limit below which rounding lets a segment go untaxed, counted once
/// for each segment, then tax was paid.
pub proof fn lemma_gain_is_taxed(
    principal: int,
    rate: int,
    weeks: nat,
    contribution: int,
    tax_rate: int,
)
    requires
        principal >= 0,
        rate >= 0,
        contribution >= 0,
        0 <= tax_rate <= SCALE,
    ensures
        ({
            let taxed = after_weeks(
                Some(principal),
                Some(rate),
                weeks,
                Some(contribution),
                Some(tax_rate),
            );
            (taxed.balance is Some && taxed.tax_paid is Some && taxed.contributions is Some) ==> {
                let gain = taxed.balance->0 + taxed.tax_paid->0 - principal
                    - taxed.contributions->0;
                &&& taxed.tax_paid->0 >= 0
                &&& gain * tax_rate > segment_count(weeks) * untaxed_gain_limit()
                    ==> taxed.tax_paid->0 > 0
            }
        }),
{
    let years = weeks / 52;
    lemma_gain_years(principal, rate, contribution, tax_rate, years);
    let before = after_years(
        Some(principal),
        Some(rate),
        Some(contribution),
        Some(tax_rate),
        years,
    );
    let taxed = after_weeks(
        Some(principal),
        Some(rate),
        weeks,
        Some(contribution),
        Some(tax_rate),
    );
    if weeks % 52 > 0 && before.balance is Some && before.tax_paid is Some {
        lemma_segment_gain(before, rate, contribution, tax_rate, weeks % 52, true);
        if taxed.balance is Some && taxed.tax_paid is Some && taxed.contributions is Some
            && taxed.tax_paid->0 == 0 {
            let earlier = before.balance->0 - before.contributions->0 - principal;
            let gain = taxed.balance->0 - taxed.contributions->0 - (before.balance->0
                - before.contributions->0);
            assert((earlier + gain) * tax_rate <= (years + 1) * untaxed_gain_limit())
                by (nonlinear_arith)
                requires
                    earlier * tax_rate <= years * untaxed_gain_limit(),
                    gain * tax_rate <= untaxed_gain_limit(),
            ;
        }
    }
}

/// Tax on a gain worth taxing leaves less. Under the conditions of the two
/// laws before, a gain before tax whose product with the tax rate is above
/// the limit for each segment makes the balance after tax strictly smaller
/// than the untaxed balance.
pub proof fn lemma_tax_lowers_balance(
    principal: int,
    rate: int,
    weeks: nat,
    contribution: int,
    tax_rate: int,
)
    requires
        principal >= 0,
        rate >= 0,
        contribution >= 0,
        0 <= tax_rate <= SCALE,
    ensures
        ({
            let taxed = after_weeks(
                Some(principal),
                Some(rate),
                weeks,
                Some(contribution),
                Some(tax_rate),
            );
            let untaxed = untaxed_after_weeks(
                Some(principal),
                Some(rate),
                weeks,
                Some(contribution),
            );
            (taxed.balance is Some && taxed.tax_paid is Some && taxed.contributions is Some
                && untaxed is Some && (taxed.balance->0 + taxed.tax_paid->0 - principal
                - taxed.contributions->0) * tax_rate > segment_count(weeks) * untaxed_gain_limit())
                ==> taxed.balance->0 < untaxed->0
        }),
{
    lemma_tax_is_a_drag(principal, rate, weeks, contribution, tax_rate);
    lemma_gain_is_taxed(principal, rate, weeks, contribution, tax_rate);
}

} // verus!
